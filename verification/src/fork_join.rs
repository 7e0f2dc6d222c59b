use vstd::prelude::*;
use vstd::arithmetic::div_mod::lemma_fundamental_div_mod;
use crate::collection::{count_collection, lemma_tally_all_concat, tally_all, views};
use crate::progress::Progress;
use crate::status_map::StatusMap;

verus! {

/// The sum of a sequence of counts.
pub open spec fn sum_counts(counts: Seq<usize>) -> nat
    decreases counts.len(),
{
    if counts.len() == 0 {
        0
    } else {
        sum_counts(counts.drop_last()) + counts.last() as nat
    }
}

/// `plan` cuts the indices from 0 up to `len` into consecutive chunks: each
/// pair is the first index of a chunk and the index after its last one, the
/// first chunk begins at 0, each chunk begins where the one before it ends,
/// and the last chunk ends at `len`.
pub open spec fn is_plan(plan: Seq<(usize, usize)>, len: nat) -> bool
    decreases plan.len(),
{
    if plan.len() == 0 {
        len == 0
    } else {
        &&& plan.last().0 <= plan.last().1
        &&& plan.last().1 == len
        &&& is_plan(plan.drop_last(), plan.last().0 as nat)
    }
}

/// How many chunks `len` items are cut into for `workers` workers: one for
/// each worker, but no chunk is empty, and a request for no worker at all
/// is served as a request for one.
pub open spec fn chunk_count(len: nat, workers: nat) -> nat {
    if len == 0 {
        0
    } else if workers == 0 {
        1
    } else if workers < len {
        workers
    } else {
        len
    }
}

/// Where chunk `i` begins when `len` items are cut into `parts` chunks as
/// evenly as possible: every chunk gets `len / parts` items, and each of the
/// first `len % parts` chunks gets one more.
pub open spec fn chunk_start(len: nat, parts: nat, i: nat) -> nat {
    i * (len / parts) + if i < len % parts {
        i
    } else {
        len % parts
    }
}

/// Every chunk of a plan lies within the range that the plan cuts.
pub proof fn lemma_plan_within(plan: Seq<(usize, usize)>, len: nat)
    requires
        is_plan(plan, len),
    ensures
        forall|i: int| 0 <= i < plan.len() ==> (#[trigger] plan[i]).0 <= plan[i].1 <= len,
    decreases plan.len(),
{
    if plan.len() > 0 {
        let front = plan.drop_last();
        lemma_plan_within(front, plan.last().0 as nat);
        assert forall|i: int| 0 <= i < plan.len() implies (#[trigger] plan[i]).0 <= plan[i].1
            <= len by {
            if i < front.len() {
                assert(front[i] == plan[i]);
            }
        }
    }
}

/// The sum of two runs of counts put end to end is the sum of their sums.
pub proof fn lemma_sum_counts_concat(a: Seq<usize>, b: Seq<usize>)
    ensures
        sum_counts(a + b) == sum_counts(a) + sum_counts(b),
    decreases b.len(),
{
    if b.len() == 0 {
        assert(a + b =~= a);
    } else {
        assert((a + b).drop_last() =~= a + b.drop_last());
        lemma_sum_counts_concat(a, b.drop_last());
    }
}

/// A part of a collection has no larger a tally than the whole.
pub proof fn lemma_chunk_tally_bounded(
    maps: Seq<Map<Seq<char>, Progress>>,
    value: Progress,
    start: int,
    end: int,
)
    requires
        0 <= start <= end <= maps.len(),
    ensures
        tally_all(maps.subrange(start, end), value) <= tally_all(maps, value),
{
    let head = maps.take(start);
    let chunk = maps.subrange(start, end);
    let tail = maps.skip(end);
    assert(head + chunk + tail =~= maps);
    lemma_tally_all_concat(head + chunk, tail, value);
    lemma_tally_all_concat(head, chunk, value);
}

/// Fork and join agree with counting in one pass: however a collection is
/// cut into consecutive chunks, the tallies of the chunks add up to the
/// tally of the whole collection.
pub proof fn lemma_fork_join(
    maps: Seq<Map<Seq<char>, Progress>>,
    value: Progress,
    plan: Seq<(usize, usize)>,
    partials: Seq<usize>,
)
    requires
        is_plan(plan, maps.len()),
        partials.len() == plan.len(),
        forall|i: int|
            0 <= i < plan.len() ==> (#[trigger] partials[i]) == tally_all(
                maps.subrange(plan[i].0 as int, plan[i].1 as int),
                value,
            ),
    ensures
        sum_counts(partials) == tally_all(maps, value),
    decreases plan.len(),
{
    if plan.len() == 0 {
        assert(maps =~= Seq::empty());
    } else {
        let cut = plan.last().0 as int;
        let head = maps.take(cut);
        let tail = maps.subrange(cut, maps.len() as int);
        let plan_front = plan.drop_last();
        let partials_front = partials.drop_last();
        lemma_plan_within(plan_front, cut as nat);
        assert forall|i: int| 0 <= i < plan_front.len() implies (#[trigger] partials_front[i])
            == tally_all(head.subrange(plan_front[i].0 as int, plan_front[i].1 as int), value) by {
            assert(plan_front[i] == plan[i]);
            assert(partials_front[i] == partials[i]);
            assert(head.subrange(plan[i].0 as int, plan[i].1 as int) =~= maps.subrange(
                plan[i].0 as int,
                plan[i].1 as int,
            ));
        }
        lemma_fork_join(head, value, plan_front, partials_front);
        assert(head + tail =~= maps);
        lemma_tally_all_concat(head, tail, value);
        assert(partials[plan.len() - 1] == tally_all(tail, value));
    }
}

/// Cuts the indices of `len` items into consecutive chunks of nearly equal
/// size, one for each of `workers` workers where there are items enough.
pub fn plan_chunks(len: usize, workers: usize) -> (plan: Vec<(usize, usize)>)
    ensures
        plan@.len() == chunk_count(len as nat, workers as nat),
        forall|i: int|
            0 <= i < plan@.len() ==> (#[trigger] plan@[i]).0 == chunk_start(
                len as nat,
                plan@.len(),
                i as nat,
            ) && plan@[i].1 == chunk_start(len as nat, plan@.len(), (i + 1) as nat),
        forall|i: int| 0 <= i < plan@.len() ==> (#[trigger] plan@[i]).0 < plan@[i].1,
        is_plan(plan@, len as nat),
{
    let mut plan: Vec<(usize, usize)> = Vec::new();
    if len == 0 {
        return plan;
    }
    let parts: usize = if workers == 0 {
        1
    } else if workers < len {
        workers
    } else {
        len
    };
    let size: usize = len / parts;
    let surplus: usize = len % parts;
    proof {
        lemma_fundamental_div_mod(len as int, parts as int);
        assert(size >= 1) by (nonlinear_arith)
            requires
                len == parts * size + surplus,
                0 <= surplus < parts,
                1 <= parts <= len,
                0 <= size,
        ;
    }
    let mut start: usize = 0;
    let mut i: usize = 0;
    while i < parts
        invariant
            1 <= parts <= len,
            1 <= size,
            size == len as nat / parts as nat,
            surplus == len as nat % parts as nat,
            len == parts * size + surplus,
            i <= parts,
            plan@.len() == i,
            start == chunk_start(len as nat, parts as nat, i as nat),
            start <= len,
            is_plan(plan@, start as nat),
            forall|j: int|
                0 <= j < i ==> (#[trigger] plan@[j]).0 == chunk_start(
                    len as nat,
                    parts as nat,
                    j as nat,
                ) && plan@[j].1 == chunk_start(len as nat, parts as nat, (j + 1) as nat),
            forall|j: int| 0 <= j < i ==> (#[trigger] plan@[j]).0 < plan@[j].1,
        decreases parts - i,
    {
        let extra: usize = if i < surplus {
            1
        } else {
            0
        };
        proof {
            assert((i + 1) * size == i * size + size) by (nonlinear_arith);
            assert((i + 1) * size <= parts * size) by (nonlinear_arith)
                requires
                    i + 1 <= parts,
                    0 <= size,
            ;
            assert(chunk_start(len as nat, parts as nat, (i + 1) as nat) == start + size + extra);
        }
        let end: usize = start + size + extra;
        let ghost before = plan@;
        plan.push((start, end));
        proof {
            assert(plan@.drop_last() =~= before);
        }
        start = end;
        i += 1;
    }
    proof {
        assert(start == len);
    }
    plan
}

/// Adds up the counts that the workers found.
pub fn combine_counts(partials: &[usize]) -> (total: usize)
    requires
        sum_counts(partials@) <= usize::MAX,
    ensures
        total == sum_counts(partials@),
{
    let mut total: usize = 0;
    let mut i: usize = 0;
    while i < partials.len()
        invariant
            i <= partials.len(),
            sum_counts(partials@) <= usize::MAX,
            total == sum_counts(partials@.take(i as int)),
        decreases partials.len() - i,
    {
        proof {
            assert(partials@.take(i + 1).drop_last() =~= partials@.take(i as int));
            assert(partials@.take(i + 1) + partials@.skip(i + 1) =~= partials@);
            lemma_sum_counts_concat(partials@.take(i + 1), partials@.skip(i + 1));
        }
        total += partials[i];
        i += 1;
    }
    proof {
        assert(partials@.take(i as int) =~= partials@);
    }
    total
}

/// Counts as `count_collection` does, by fork and join on the calling
/// thread: the collection is cut by `plan_chunks` for `workers` workers,
/// each chunk is counted by itself, and `combine_counts` adds the counts up.
/// A pool of workers that counts the chunks side by side comes to the same
/// number.
pub fn count_collection_chunked(
    collection: &[StatusMap],
    value: Progress,
    workers: usize,
) -> (total: usize)
    requires
        tally_all(views(collection@), value) <= usize::MAX,
    ensures
        total == tally_all(views(collection@), value),
{
    let ghost maps = views(collection@);
    let plan = plan_chunks(collection.len(), workers);
    let mut partials: Vec<usize> = Vec::new();
    let mut i: usize = 0;
    while i < plan.len()
        invariant
            i <= plan@.len(),
            maps == views(collection@),
            tally_all(maps, value) <= usize::MAX,
            is_plan(plan@, maps.len()),
            partials@.len() == i,
            forall|j: int|
                0 <= j < i ==> (#[trigger] partials@[j]) == tally_all(
                    maps.subrange(plan@[j].0 as int, plan@[j].1 as int),
                    value,
                ),
        decreases plan@.len() - i,
    {
        let (start, end) = plan[i];
        proof {
            lemma_plan_within(plan@, maps.len());
            assert(plan@[i as int].0 <= plan@[i as int].1 <= maps.len());
            lemma_chunk_tally_bounded(maps, value, start as int, end as int);
            assert(views(collection@.subrange(start as int, end as int)) =~= maps.subrange(
                start as int,
                end as int,
            ));
        }
        let count = count_collection(&collection[start..end], value);
        partials.push(count);
        i += 1;
    }
    proof {
        lemma_fork_join(maps, value, plan@, partials@);
    }
    combine_counts(partials.as_slice())
}

} // verus!
