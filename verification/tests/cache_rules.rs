use yggdrasil_keygen::{Cache, CacheError, CacheFile, Candidate};

fn secret(n: u8) -> String {
    format!("{:064x}", n)
}

fn candidate(n: u8) -> Candidate {
    Candidate::from_hex(&secret(n)).unwrap()
}

fn strengths(cache: &Cache) -> Vec<u32> {
    cache.records().iter().map(|record| record.1).collect()
}

fn filled(target_size: usize, values: &[u32]) -> Cache {
    let mut cache = Cache::new(target_size);
    for (i, value) in values.iter().enumerate() {
        cache.add_identity(candidate(i as u8 + 1), *value);
    }
    cache
}

#[test]
fn new_cache_is_empty() {
    let cache = Cache::new(4);
    assert_eq!(cache.len(), 0);
    assert_eq!(cache.target_size(), 4);
    assert_eq!(cache.get_min_strength(), 0);
    assert_eq!(cache.strength_at(0), None);
}

#[test]
fn four_inserts_under_bound_two() {
    let cache = filled(2, &[5, 3, 9, 1]);
    assert_eq!(strengths(&cache), vec![9, 5]);
    assert_eq!(cache.get_min_strength(), 5);
    assert_eq!(cache.len(), 2);
}

#[test]
fn bound_holds_after_every_insert() {
    let mut cache = Cache::new(3);
    for (i, value) in [4u32, 8, 1, 9, 9, 2, 7].iter().enumerate() {
        cache.add_identity(candidate(i as u8 + 1), *value);
        assert!(cache.len() <= 3);
        let held = strengths(&cache);
        assert!(held.windows(2).all(|pair| pair[0] >= pair[1]));
    }
    assert_eq!(strengths(&cache), vec![9, 9, 8]);
}

#[test]
fn retained_strengths_do_not_depend_on_order() {
    let one = filled(3, &[2, 7, 4, 9, 1]);
    let other = filled(3, &[9, 1, 4, 2, 7]);
    let third = filled(3, &[1, 2, 4, 7, 9]);
    assert_eq!(strengths(&one), vec![9, 7, 4]);
    assert_eq!(strengths(&other), vec![9, 7, 4]);
    assert_eq!(strengths(&third), vec![9, 7, 4]);
}

#[test]
fn equal_strengths_keep_arrival_order() {
    let mut cache = Cache::new(4);
    cache.add_identity(candidate(1), 5);
    cache.add_identity(candidate(2), 5);
    cache.add_identity(candidate(3), 6);
    cache.add_identity(candidate(4), 5);
    let records = cache.records();
    assert_eq!(records.len(), 4);
    assert_eq!(records[0], (candidate(3).to_hex_joined(), 6));
    assert_eq!(records[1], (candidate(1).to_hex_joined(), 5));
    assert_eq!(records[2], (candidate(2).to_hex_joined(), 5));
    assert_eq!(records[3], (candidate(4).to_hex_joined(), 5));
}

#[test]
fn latest_of_equals_is_dropped_at_the_bound() {
    let mut cache = Cache::new(2);
    cache.add_identity(candidate(1), 5);
    cache.add_identity(candidate(2), 5);
    cache.add_identity(candidate(3), 5);
    let records = cache.records();
    assert_eq!(records.len(), 2);
    assert_eq!(records[0].0, candidate(1).to_hex_joined());
    assert_eq!(records[1].0, candidate(2).to_hex_joined());
}

#[test]
fn bound_zero_retains_nothing() {
    let mut cache = Cache::new(0);
    cache.add_identity(candidate(1), 17);
    assert_eq!(cache.len(), 0);
    assert_eq!(cache.get_min_strength(), 0);
    assert!(matches!(cache.take_best(), Err(CacheError::NoCandidatesAvailable)));
}

#[test]
fn take_best_removes_the_strongest() {
    let mut cache = filled(2, &[5, 3, 9, 1]);
    let best = cache.take_best().unwrap();
    assert_eq!(best.strength, 9);
    assert_eq!(best.candidate.to_hex_joined(), candidate(3).to_hex_joined());
    assert_eq!(strengths(&cache), vec![5]);
    assert_eq!(cache.target_size(), 2);
}

#[test]
fn take_best_on_empty_cache_fails() {
    let mut cache = Cache::new(2);
    assert!(matches!(cache.take_best(), Err(CacheError::NoCandidatesAvailable)));
    assert_eq!(cache.len(), 0);
}

#[test]
fn output_on_empty_cache_fails() {
    let mut cache = Cache::new(2);
    assert!(matches!(cache.output(), Err(CacheError::NoCandidatesAvailable)));
    assert_eq!(cache.len(), 0);
}

#[test]
fn strength_at_reads_in_order() {
    let cache = filled(3, &[5, 3, 9]);
    assert_eq!(cache.strength_at(0), Some(9));
    assert_eq!(cache.strength_at(1), Some(5));
    assert_eq!(cache.strength_at(2), Some(3));
    assert_eq!(cache.strength_at(3), None);
}

#[test]
fn stored_cache_loads_back_unchanged() {
    let cache = filled(3, &[2, 7, 4, 9, 1]);
    let first = CacheFile::from(cache);
    let again = CacheFile { keys: first.keys.clone() };
    let reloaded = Cache::load(again, 3);
    assert_eq!(reloaded.target_size(), 3);
    let second = CacheFile::from(reloaded);
    assert_eq!(first.keys, second.keys);
    assert_eq!(second.keys.iter().map(|k| k.1).collect::<Vec<u32>>(), vec![9, 7, 4]);
}

#[test]
fn load_drops_undecodable_records() {
    let good = candidate(7).to_hex_joined();
    let file = CacheFile {
        keys: vec![
            (String::from("not hexadecimal"), 40),
            (good.clone(), 12),
            (String::from("abcd"), 30),
            (format!("{}zz", &good[..126]), 20),
        ],
    };
    let cache = Cache::load(file, 8);
    assert_eq!(cache.records(), vec![(good, 12)]);
}

#[test]
fn load_orders_and_bounds_the_records() {
    let file = CacheFile {
        keys: vec![
            (secret(1), 3),
            (secret(2), 11),
            (secret(3), 7),
        ],
    };
    let cache = Cache::load(file, 2);
    let records = cache.records();
    assert_eq!(records.len(), 2);
    assert_eq!(records[0], (candidate(2).to_hex_joined(), 11));
    assert_eq!(records[1], (candidate(3).to_hex_joined(), 7));
}

#[test]
fn load_of_empty_file_is_empty() {
    let cache = Cache::load(CacheFile { keys: Vec::new() }, 5);
    assert_eq!(cache.len(), 0);
    assert_eq!(cache.target_size(), 5);
}

#[test]
fn stored_cache_loads_back_under_a_wider_bound() {
    let cache = filled(3, &[6, 6, 2]);
    let first = CacheFile::from(cache);
    let reloaded = Cache::load(CacheFile { keys: first.keys.clone() }, 10);
    assert_eq!(reloaded.target_size(), 10);
    assert_eq!(reloaded.records(), first.keys);
}
