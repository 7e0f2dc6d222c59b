use status_tally::decimal::key_name;
use status_tally::generator::{get_map, get_vec_map, progress_for};
use status_tally::progress::Progress;
use status_tally::status_map::count_iterator;

#[test]
fn key_name_appends_the_index_in_decimal() {
    assert_eq!(key_name("a", 0), "a0");
    assert_eq!(key_name("a", 7), "a7");
    assert_eq!(key_name("a", 10), "a10");
    assert_eq!(key_name("a", 100), "a100");
    assert_eq!(key_name("vec,10,5", 42), "vec,10,542");
    assert_eq!(key_name("", 9_876_543_210), "9876543210");
}

#[test]
fn key_name_agrees_with_the_standard_formatting() {
    for index in [0usize, 1, 9, 10, 11, 99, 100, 101, 999, 1000, 65_535, usize::MAX] {
        assert_eq!(key_name("k", index), format!("{}{}", "k", index));
    }
}

#[test]
fn progress_for_follows_the_thresholds() {
    // len = 3: three quarters is 2, half is 1
    assert_eq!(progress_for(0, 3), Progress::NotStarted);
    assert_eq!(progress_for(1, 3), Progress::NotStarted);
    assert_eq!(progress_for(2, 3), Progress::Partial);
    assert_eq!(progress_for(3, 3), Progress::Complete);
    // len = 4: three quarters is 3, half is 2
    assert_eq!(progress_for(2, 4), Progress::NotStarted);
    assert_eq!(progress_for(3, 4), Progress::Partial);
    assert_eq!(progress_for(4, 4), Progress::Complete);
    // len = 100: three quarters is 75, half is 50
    assert_eq!(progress_for(50, 100), Progress::NotStarted);
    assert_eq!(progress_for(51, 100), Progress::Partial);
    assert_eq!(progress_for(75, 100), Progress::Partial);
    assert_eq!(progress_for(76, 100), Progress::Complete);
}

#[test]
fn progress_for_small_and_large_lengths() {
    assert_eq!(progress_for(0, 0), Progress::NotStarted);
    assert_eq!(progress_for(0, 1), Progress::NotStarted);
    assert_eq!(progress_for(1, 1), Progress::Complete);
    assert_eq!(progress_for(1, 2), Progress::NotStarted);
    assert_eq!(progress_for(2, 2), Progress::Complete);
    let big = usize::MAX - 1;
    let upper = (3 * (big as u128) / 4) as usize;
    assert_eq!(progress_for(upper, big), Progress::Partial);
    assert_eq!(progress_for(upper + 1, big), Progress::Complete);
    assert_eq!(progress_for(big / 2, big), Progress::NotStarted);
    assert_eq!(progress_for(big / 2 + 1, big), Progress::Partial);
}

#[test]
fn get_map_of_three_has_the_four_expected_entries() {
    let map = get_map("a", 3);
    assert_eq!(map.len(), 4);
    assert_eq!(map.get("a0"), Some(Progress::NotStarted));
    assert_eq!(map.get("a1"), Some(Progress::NotStarted));
    assert_eq!(map.get("a2"), Some(Progress::Partial));
    assert_eq!(map.get("a3"), Some(Progress::Complete));
    assert_eq!(map.get("a4"), None);
    assert_eq!(map.get("a"), None);
    assert_eq!(map.get("b0"), None);
}

#[test]
fn get_map_of_three_counts() {
    let map = get_map("a", 3);
    assert_eq!(count_iterator(&map, Progress::Complete), 1);
    assert_eq!(count_iterator(&map, Progress::Partial), 1);
    assert_eq!(count_iterator(&map, Progress::NotStarted), 2);
}

#[test]
fn get_map_of_zero_has_one_entry() {
    let map = get_map("only", 0);
    assert_eq!(map.len(), 1);
    assert_eq!(map.get("only0"), Some(Progress::NotStarted));
    assert_eq!(count_iterator(&map, Progress::NotStarted), 1);
    assert_eq!(count_iterator(&map, Progress::Partial), 0);
    assert_eq!(count_iterator(&map, Progress::Complete), 0);
}

#[test]
fn get_map_of_a_hundred_counts() {
    let map = get_map("a", 100);
    assert_eq!(map.len(), 101);
    assert_eq!(count_iterator(&map, Progress::Complete), 25);
    assert_eq!(count_iterator(&map, Progress::Partial), 25);
    assert_eq!(count_iterator(&map, Progress::NotStarted), 51);
    assert_eq!(map.get("a100"), Some(Progress::Complete));
    assert_eq!(map.get("a76"), Some(Progress::Complete));
    assert_eq!(map.get("a75"), Some(Progress::Partial));
    assert_eq!(map.get("a51"), Some(Progress::Partial));
    assert_eq!(map.get("a50"), Some(Progress::NotStarted));
    assert_eq!(map.get("a101"), None);
}

#[test]
fn get_map_keeps_every_index_apart() {
    let map = get_map("", 1000);
    assert_eq!(map.len(), 1001);
    for index in 0..=1000usize {
        assert_eq!(map.get(&index.to_string()), Some(progress_for(index, 1000)));
    }
}

#[test]
fn get_vec_map_makes_the_asked_number_of_maps() {
    let maps = get_vec_map(10, 5);
    assert_eq!(maps.len(), 10);
    for map in maps.iter() {
        assert_eq!(map.len(), 6);
        assert_eq!(map.get("vec,10,50"), Some(Progress::NotStarted));
        assert_eq!(map.get("vec,10,51"), Some(Progress::NotStarted));
        assert_eq!(map.get("vec,10,52"), Some(Progress::NotStarted));
        assert_eq!(map.get("vec,10,53"), Some(Progress::Partial));
        assert_eq!(map.get("vec,10,54"), Some(Progress::Complete));
        assert_eq!(map.get("vec,10,55"), Some(Progress::Complete));
        assert_eq!(map.get("vec,10,56"), None);
    }
}

#[test]
fn get_vec_map_of_no_maps_is_empty() {
    assert_eq!(get_vec_map(0, 5).len(), 0);
}

#[test]
fn generated_tallies_follow_the_thresholds() {
    for len in 0..60usize {
        let map = get_map("g", len);
        assert_eq!(count_iterator(&map, Progress::NotStarted), len / 2 + 1);
        assert_eq!(count_iterator(&map, Progress::Partial), 3 * len / 4 - len / 2);
        assert_eq!(count_iterator(&map, Progress::Complete), len - 3 * len / 4);
    }
}
