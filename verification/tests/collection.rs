use status_tally::collection::{count_collection, count_entries};
use status_tally::fork_join::{combine_counts, count_collection_chunked, plan_chunks};
use status_tally::generator::{get_map, get_vec_map};
use status_tally::progress::Progress;
use status_tally::status_map::{count_iterator, StatusMap};

const ALL: [Progress; 3] = [Progress::NotStarted, Progress::Partial, Progress::Complete];

fn single(key: &str, status: Progress) -> StatusMap {
    let mut map = StatusMap::new();
    map.insert(key.to_string(), status);
    map
}

fn fork_join(collection: &[StatusMap], value: Progress, workers: usize) -> usize {
    let plan = plan_chunks(collection.len(), workers);
    let partials: Vec<usize> =
        plan.iter().map(|&(start, end)| count_collection(&collection[start..end], value)).collect();
    combine_counts(&partials)
}

#[test]
fn empty_collection_counts_zero() {
    let collection: Vec<StatusMap> = Vec::new();
    for value in ALL {
        assert_eq!(count_collection(&collection, value), 0);
    }
}

#[test]
fn collection_of_empty_maps_counts_zero() {
    let one = vec![StatusMap::new()];
    let three = vec![StatusMap::new(), StatusMap::new(), StatusMap::new()];
    for value in ALL {
        assert_eq!(count_collection(&one, value), 0);
        assert_eq!(count_collection(&three, value), 0);
    }
}

#[test]
fn one_generated_map_in_a_collection() {
    let collection = vec![get_map("a", 3)];
    assert_eq!(count_collection(&collection, Progress::Complete), 1);
    assert_eq!(count_collection(&collection, Progress::Partial), 1);
    assert_eq!(count_collection(&collection, Progress::NotStarted), 2);
}

#[test]
fn two_disjoint_maps_with_one_complete_entry_each() {
    let collection = vec![single("left", Progress::Complete), single("right", Progress::Complete)];
    assert_eq!(count_collection(&collection, Progress::Complete), 2);
    assert_eq!(count_collection(&collection, Progress::Partial), 0);
    assert_eq!(count_collection(&collection, Progress::NotStarted), 0);
}

#[test]
fn maps_that_share_keys_are_counted_apart() {
    let collection = vec![
        single("same", Progress::Complete),
        single("same", Progress::Complete),
        single("same", Progress::Partial),
    ];
    assert_eq!(count_collection(&collection, Progress::Complete), 2);
    assert_eq!(count_collection(&collection, Progress::Partial), 1);
    assert_eq!(count_collection(&collection, Progress::NotStarted), 0);
}

#[test]
fn collection_count_is_the_sum_of_the_map_counts() {
    let collection = vec![get_map("a", 3), StatusMap::new(), get_map("b", 10), get_map("c", 0)];
    for value in ALL {
        let by_map: usize = collection.iter().map(|map| count_iterator(map, value)).sum();
        assert_eq!(count_collection(&collection, value), by_map);
    }
    // a: 2, 1, 1; b (thresholds 7 and 5): 6, 2, 3; c: 1, 0, 0
    assert_eq!(count_collection(&collection, Progress::NotStarted), 9);
    assert_eq!(count_collection(&collection, Progress::Partial), 3);
    assert_eq!(count_collection(&collection, Progress::Complete), 4);
}

#[test]
fn count_entries_adds_up_the_sizes() {
    let none: Vec<StatusMap> = Vec::new();
    assert_eq!(count_entries(&none), Some(0));
    assert_eq!(count_entries(&[StatusMap::new()]), Some(0));
    assert_eq!(count_entries(&[get_map("a", 3)]), Some(4));
    assert_eq!(count_entries(&get_vec_map(10, 5)), Some(60));
    assert_eq!(count_entries(&[single("same", Progress::Partial), single("same", Progress::Partial)]), Some(2));
}

#[test]
fn three_counts_add_up_to_the_number_of_entries() {
    let collection = vec![get_map("a", 3), StatusMap::new(), get_map("b", 10), get_map("c", 0)];
    let by_map: usize = collection.iter().map(|map| map.len()).sum();
    assert_eq!(by_map, 16);
    assert_eq!(count_entries(&collection), Some(16));
    let counted: usize = ALL.iter().map(|&value| count_collection(&collection, value)).sum();
    assert_eq!(counted, 16);
}

#[test]
fn three_counts_add_up_for_generated_collections() {
    for lenx in 0..6usize {
        for leny in 0..9usize {
            let collection = get_vec_map(lenx, leny);
            let counted: usize = ALL.iter().map(|&value| count_collection(&collection, value)).sum();
            assert_eq!(Some(counted), count_entries(&collection));
            assert_eq!(counted, lenx * (leny + 1));
        }
    }
}

#[test]
fn generated_collection_counts() {
    let collection = get_vec_map(10, 5);
    assert_eq!(count_collection(&collection, Progress::NotStarted), 30);
    assert_eq!(count_collection(&collection, Progress::Partial), 10);
    assert_eq!(count_collection(&collection, Progress::Complete), 20);
}

#[test]
fn generated_collection_of_a_hundred_entries_each() {
    let collection = get_vec_map(10, 100);
    assert_eq!(count_collection(&collection, Progress::Complete), 250);
    assert_eq!(count_collection(&collection, Progress::Partial), 250);
    assert_eq!(count_collection(&collection, Progress::NotStarted), 510);
}

#[test]
fn count_collection_is_repeatable() {
    let collection = get_vec_map(4, 9);
    for value in ALL {
        let first = count_collection(&collection, value);
        let second = count_collection(&collection, value);
        assert_eq!(first, second);
    }
    assert_eq!(collection.len(), 4);
    assert_eq!(collection[0].len(), 10);
}

#[test]
fn count_collection_does_not_depend_on_the_order_of_the_maps() {
    let forward = vec![get_map("a", 3), get_map("b", 10), get_map("c", 0)];
    let backward = vec![get_map("c", 0), get_map("b", 10), get_map("a", 3)];
    for value in ALL {
        assert_eq!(count_collection(&forward, value), count_collection(&backward, value));
    }
}

#[test]
fn plan_chunks_cuts_evenly() {
    assert_eq!(plan_chunks(10, 3), vec![(0, 4), (4, 7), (7, 10)]);
    assert_eq!(plan_chunks(9, 3), vec![(0, 3), (3, 6), (6, 9)]);
    assert_eq!(plan_chunks(11, 4), vec![(0, 3), (3, 6), (6, 9), (9, 11)]);
    assert_eq!(plan_chunks(5, 1), vec![(0, 5)]);
}

#[test]
fn plan_chunks_edge_cases() {
    assert_eq!(plan_chunks(0, 4), Vec::<(usize, usize)>::new());
    assert_eq!(plan_chunks(0, 0), Vec::<(usize, usize)>::new());
    assert_eq!(plan_chunks(5, 0), vec![(0, 5)]);
    assert_eq!(plan_chunks(3, 8), vec![(0, 1), (1, 2), (2, 3)]);
    assert_eq!(plan_chunks(1, 1), vec![(0, 1)]);
    assert_eq!(plan_chunks(usize::MAX, 2), vec![(0, usize::MAX / 2 + 1), (usize::MAX / 2 + 1, usize::MAX)]);
}

#[test]
fn plan_chunks_covers_every_index_once() {
    for len in 0..40usize {
        for workers in 0..12usize {
            let plan = plan_chunks(len, workers);
            let mut next = 0;
            for &(start, end) in plan.iter() {
                assert_eq!(start, next);
                assert!(start < end);
                next = end;
            }
            assert_eq!(next, len);
            assert!(plan.len() <= workers.max(1));
        }
    }
}

#[test]
fn combine_counts_adds_up() {
    assert_eq!(combine_counts(&[]), 0);
    assert_eq!(combine_counts(&[7]), 7);
    assert_eq!(combine_counts(&[1, 2, 3]), 6);
    assert_eq!(combine_counts(&[0, 0, 5, 0]), 5);
    assert_eq!(combine_counts(&[usize::MAX - 1, 1]), usize::MAX);
}

#[test]
fn fork_join_agrees_with_one_pass() {
    let collection = get_vec_map(7, 13);
    for workers in 0..10usize {
        for value in ALL {
            assert_eq!(fork_join(&collection, value, workers), count_collection(&collection, value));
        }
    }
    assert_eq!(fork_join(&collection, Progress::Complete, 3), 28);
}

#[test]
fn chunked_count_agrees_with_one_pass() {
    let collection = get_vec_map(7, 13);
    for workers in 0..10usize {
        for value in ALL {
            assert_eq!(
                count_collection_chunked(&collection, value, workers),
                count_collection(&collection, value)
            );
        }
    }
    // each map: thresholds 9 and 6, so 7 not started, 3 partial, 4 complete
    assert_eq!(count_collection_chunked(&collection, Progress::NotStarted, 3), 49);
    assert_eq!(count_collection_chunked(&collection, Progress::Partial, 3), 21);
    assert_eq!(count_collection_chunked(&collection, Progress::Complete, 3), 28);
}

#[test]
fn chunked_count_of_small_collections() {
    let none: Vec<StatusMap> = Vec::new();
    let one = vec![get_map("a", 3)];
    let two = vec![single("left", Progress::Complete), single("right", Progress::Complete)];
    for workers in [0usize, 1, 2, 5, usize::MAX] {
        assert_eq!(count_collection_chunked(&none, Progress::Complete, workers), 0);
        assert_eq!(count_collection_chunked(&[StatusMap::new()], Progress::Complete, workers), 0);
        assert_eq!(count_collection_chunked(&one, Progress::NotStarted, workers), 2);
        assert_eq!(count_collection_chunked(&two, Progress::Complete, workers), 2);
    }
}

#[test]
fn fork_join_of_an_empty_collection() {
    let collection: Vec<StatusMap> = Vec::new();
    for value in ALL {
        assert_eq!(fork_join(&collection, value, 4), 0);
    }
}
